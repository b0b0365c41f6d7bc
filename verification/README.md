# fstar_deps

Reads and resolves the dependency graph of an F* project, as `fstar.exe --dep raw` prints it.

- `src/fstar/raw_deps.rs`: the format of `--dep raw` output, its parser (proved to accept exactly
  the texts of well-formed graphs and to give back the graph they print), and how a source file's
  name determines the module it holds.
- `src/graph.rs`: resolution of the raw graph into a graph between source files, or the groups of
  files that hold the same module twice.
- `src/fstar/cli.rs`: what the outcome of a run of F* means.
- `src/api/`: package descriptions, git locations and integrity hashes.
- `app/`: running F* and git, hashing files, and the program's `main`.
