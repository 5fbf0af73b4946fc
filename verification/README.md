# autoclaw

A knowledge graph of a code base and of the decisions taken while working on it, with the
rules that keep it current: reconciling extracted facts, indexing Rust sources with
tree-sitter, folding references into impact patterns, writing rule files for the editor, the
tick that decides when to snapshot or extract, and the accuracy benchmark's bookkeeping.

- `src/` is the library, written in Verus: every function there carries a contract that Verus
  proves. Calls into `regex`, `tree-sitter` and the standard library that cannot be proved
  stand behind small trusted wrappers whose contracts say what those crates document.
- `app/` is the ordinary Rust around it: serde formats, file and process I/O, and the
  floating-point scores (tier weights, relevance decay, PageRank, precision and recall).
- `tests/` exercises the library on concrete values.
