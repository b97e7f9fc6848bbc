# tropical_bundler

A JS/TS bundler that places code-splitting boundaries with tropical (min-plus)
linear algebra: the closure of the module graph gives the cheapest accumulated
byte cost of reaching every module from the entry, and modules over the byte
budget go to async chunks.

## Layout

- `src/` — the verified library (Verus).
  - `tropical.rs`, `semiring.rs`, `paths.rs` — the sparse min-plus matrix, its
    mathematical model, and the proof that the closure holds the cheapest path
    weights.
  - `baseline.rs` — DFS reachability and Dijkstra, with the proof that the
    closure agrees with Dijkstra on every pair.
  - `graphgen.rs`, `jsgen.rs` — the reproducible synthetic graphs.
  - `project.rs`, `scan.rs`, `resolve.rs` — the import scanner, the traversal
    that discovers a project's modules, and import resolution.
  - `splitter.rs`, `bundle.rs`, `transform.rs` — sync/async classification,
    chunk grouping, load order, and the module rewriter.
  - `config.rs`, `cli.rs`, `text.rs` — configuration file, command line, and
    character-level helpers.
- `app/` — the command-line program: file system, timing and output around
  the library.
- `tests/` — tests of the library.
