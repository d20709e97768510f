# bakome_codemapper

A multi-language source analyser (Rust, Python, JavaScript/TypeScript, MQL5,
C/C++) whose logic is written in Verus and proved against its contracts.

It reads source files, extracts their imports, functions and line metrics,
builds the import graph, its reverse and the call graph, and reports dead
code (files nothing imports), orphan files (files that import nothing),
circular dependencies, the most connected files and, for a GitHub issue, the
files most similar to it (TF-IDF cosine similarity of their tokens).

## Layout

- `src/` — the verified library
  - `unicode.rs` — the standard-library calls that the proofs trust
    (character classes, lowercase, path stem and extension, `String::push`)
  - `text.rs` — trimming, searching, counting, splitting and lines of text
  - `model.rs` — `FunctionNode`, `FileNode`, `Issue` and their views
  - `metrics.rs` — line counts and the rough cyclomatic complexity
  - `parse.rs`, `lang.rs` — one parser per language family, language
    detection and dispatch
  - `table.rs` — tables keyed by text, read as maps
  - `mapper.rs` — `CodeMapper`, import resolution, reverse graph, dead code
    and orphans
  - `cycles.rs` — circular dependencies: the depth-first walk as a spec
    function, and proofs that what it reports is sound and complete
  - `callgraph.rs`, `ranking.rs`, `scan.rs`, `report.rs`, `issue.rs` — call
    graph, most connected files, reading sources, the summary, tokens and the
    term and document frequencies and the whole-number parts of the cosine
    similarity
- `app/` — the command-line program: directory walk, file reads, floating
  point scores, printing and the JSON export
- `tests/` — tests run against the compiled library
