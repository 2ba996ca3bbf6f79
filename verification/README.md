# evs_delta

An incremental computation engine for state that changes continuously,
verified with Verus.

- `src/` is the verified library: text deltas and how they apply; node ids,
  versions and fingerprints; a dependency graph with cycle refusal, eager and
  lazy invalidation and dependency-first scheduling; a store of node values;
  the engine core that recomputes what needs it; a small language pipeline
  (lexer, parser, symbols, diagnostics) whose incremental stages agree with
  full recomputation; benchmark workloads; install paths.
- `app/` is the `delta-cli` program: command line, the JSON-lines server for
  editor adapters, file I/O, the engine's value casts and its floating-point
  recompute policy, and the serde copies of library types.
- `tests/` exercises the library through its public API.
