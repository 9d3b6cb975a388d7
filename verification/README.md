# codefacts

Local, source-backed code facts for coding agents, served over a stdio MCP
transport. The library in `src/` is written in Verus: every function carries
a contract over mathematical models (sequences of characters, JSON views,
node and edge views) and is proved against it.

## Layout

- `src/text.rs`, `src/order.rs`, `src/digest.rs`, `src/json.rs` — character
  utilities, stable insertion sorting, SHA-256 and hexadecimal spelling, and a
  JSON value model with its compact text.
- `src/types.rs` — symbols (`CodeNode`), relationships (`CodeEdge`) and
  their kinds.
- `src/indexer/` — the Markdown extractor, the endpoint extractor (over a
  syntax tree handed over as a list of named nodes), and the pure parts of
  the indexing pipeline: node indexes, call-candidate resolution and static
  rebinding, and the decisions of an indexing run (which files are walked,
  parsed again or removed, which names are bound again, which steps follow).
- `src/lsp.rs` — LSP provider selection, availability, symbol positions,
  file URIs, message framing and reference answers.
- `src/mcp.rs` — protocol selection, argument validation (including the
  `format` of every answer and the `section` and `cursor` of `expand`),
  request routing and JSON-RPC envelopes.
- `src/service.rs`, `src/service/` — paging and cursors, search and outline
  pages, symbol resolution, the breadth-first path search over confirmed
  static calls, the project registry, the `expand` section pages (their
  cursors, bound to the index generation and the semantic snapshot, and the
  budget loop that trims the largest section first until the compact answer
  fits), and the JSON of every fact and result.
- `src/presentation.rs`, `src/presentation/markdown.rs` — compact results
  and their Markdown rendering.
- `src/laws.rs` — properties that span several functions.
- `src/cli.rs` — the command line.
- `app/` — the executable: arguments, the stdio loop, conversion between
  `serde_json` values and the library's JSON values, and state file
  locations.
- `tests/` — tests of the library on concrete values.

## What the executable does not do yet

The fact store (SQLite schema, queries and full-text index) and the
tree-sitter node extractor are not part of this crate. The server therefore
answers `initialize`, `server/discover` and `tools/list`, validates every
tool call and selects its project, but each of the five tools answers with
an error saying that no store backend is available: nothing yet indexes a
repository, drives the path search, decodes cursors for a store query, or
starts a language server. The library functions those steps would call are
in `src/`; `app/syntax.rs` already turns a tree-sitter tree into the endpoint
extractor's input, but nothing calls it yet.
