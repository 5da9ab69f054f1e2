# omnivore

The coverage-ingestion core of the Omnivore dashboard, written in Verus: the
parsers that turn lcov, Go coverprofile, llvm-cov, coverage.py, JaCoCo/Kover
and Omnivore reports into one normalized model, and the rules the server
applies around them, each with a contract proved by Verus.

## Layout

- `src/coverage/` — the normalized report model (`model.rs`), format
  detection and parse errors (`format.rs`), and one module per input format.
  Text formats (lcov, Go) are parsed here from their characters; JSON and XML
  documents are deserialized by the caller into the plain document types of
  `python_coverage`, `llvm_cov` and `jacoco_xml`, whose reports are built here,
  after a check here that the document's counts fit. `totals.rs` sums
  snapshots for export reports and for a project's composite of targets.
- `src/server/` — the server's decisions that do not touch storage: CSRF
  tokens, the ingest rate limiter, settings read from environment values,
  the ingest and badge choices, and the data behind the HTML pages: the
  file view's rows, and the project page's nested file tree and uncovered
  hotspots (`file_tree.rs`), with counts summed rather than rates averaged.
- `src/crypto.rs` — at-rest encryption of stored secrets
  (ChaCha20-Poly1305 under a SHA-256-derived key); `src/ids.rs` — random
  version-4 UUIDs. What is drawn at random, or read from the clock, is handed
  to verified functions that take it as an argument and state their result
  exactly.
- `src/github.rs` — GitHub source URLs, tree parsing, path resolution and
  the tree cache.
- `src/storage.rs` — schema splitting, API-key material and retention and
  ratchet settings.
- `src/tasks/` — the task-management domain of the Rust test rig.
- `src/validation.rs`, `src/text.rs` — input validation and the string
  toolkit the rest is written with.
- `app/` — a command-line front end: file and environment I/O, serde and
  quick-xml deserialization, and the floating-point presentation of rates.
- `tests/` — executable tests of the library.

Outside crates, and the parts of std that vstd does not specify, are reached
only through the trusted wrappers in `crypto.rs`, `ids.rs`, `server/csrf.rs`,
`coverage/model.rs` and `text.rs`, each documented with what its contract
assumes of the code it calls.
