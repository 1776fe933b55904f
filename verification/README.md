# tabbify_codeservice

A workspace code-intelligence service: path confinement under the projects
and knowledge roots, LSP wire framing, tree-sitter symbol extraction, text and
symbol edits, search-result shaping, and the git/broker request logic.

- `src/` — the verified library (Verus). Each method is a function from the
  values it needs (file contents, directory listings, tool output, broker
  replies) to its result: `paths` / `components` (confinement,
  `Path::strip_prefix`), `lsp` (Content-Length framing as a fed byte-buffer
  reader, readiness), `treesitter` (the symbol walk),
  `methods::{edit, symbols, search, git, read}`, `repo` (discovery).
  Most contracts state the result outright over mathematical models. Where
  an outside crate decides part of the answer, the contract names what the
  crate computes and states the rest over that name: the symbol functions
  are stated over `ts_parse`, the tree that tree-sitter's Rust grammar makes
  of a source, and the JSON readers over `json_nodes` / `json_doc`, what
  serde_json makes of a value or of bytes. The calls into tree-sitter and
  serde_json go through small trusted wrappers whose doc comments say what
  is assumed of them.
- `app/` — the binary: HTTP routing (axum), file and process I/O, the
  rust-analyzer process and the broker socket.
- `tests/` — behaviour tests over in-memory inputs, including comparisons with
  `std::path` on path handling.
