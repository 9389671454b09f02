# Detamu

Detamu keeps a living reference model of a codebase: immutable snapshots of a
code world (files, symbols, their metrics and dependencies) observed by
analyzers, stored per snapshot and queried as a graph.

The library in `src/` is written in Verus. Its functions carry contracts that
Verus proves; calls into outside crates go through small trusted wrappers whose
contracts are stated next to them.

- `kernel`, `identity`, `observation`: entities, relations, attributes,
  measurements and observation batches.
- `model`, `model_code`: world models and the code model (revisions, symbols,
  file entities, identifiers).
- `git`: Git source resolution, tree listing, history parsing and the file
  inventory.
- `syntax`: Rust syntax analysis over a Tree-sitter tree: symbols, qualified
  names, signatures, complexity, parameters and file history.
- `lizard`: Lizard CSV reports into symbol observations.
- `coverage`: LCOV and Cobertura reports, and which entity coverage applies to.
- `analyzers`, `semantics`: language-server decisions: URIs and paths, the
  symbol catalog, containing symbols, call hierarchy items, message framing,
  and the batch of dependency edges a language server reports.
- `memory`, `store`: the in-memory snapshot store and its laws. The store
  is the only one provided: there is no persistent database backend.
- `query`, `query_code`, `commands`: snapshot queries, code queries, the
  steps of a query over a store, and command-line arguments.
- `runtime`: discovery of optional analyzer executables.
- `sdk`: gathering analyzer batches into one indexed snapshot.
- `text`, `numbers`, `maps`: text, number and map helpers with their specs.

`app/` holds the host side that Verus does not see: processes, files, the
language-server session, the store behind a lock and the asynchronous query
facade over it, JSON, floating-point scoring and the command line. `tests/` exercises the library from outside.
