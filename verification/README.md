# ske

The core of a Buck2/Bazel-centred editor, written in Verus: editing Starlark
build files, the workspace's file⇄target index, language templates, and a
piece-table buffer for very large files. Every function in `src/` carries a
contract that Verus proves; the few calls into outside crates (the Starlark
parser, the JSON reader, two std formatting/case functions) sit behind small
trusted items whose contracts are stated next to them.

## Layout

- `src/edit.rs` — add/remove list entries, create/remove/list rules; the
  rule block is reformatted and entries are kept sorted.
- `src/batch.rs` — several edits in a row, and the rule-listing lines.
- `src/starlark.rs` — the parsed statements the editor reads; `src/nesting.rs`
  — the scan that keeps too large or too deeply nested sources from the parser.
- `src/template.rs`, `src/install.rs` — `*.skedit.toml` manifests, the set
  of active templates, and `skedit template` argument handling.
- `src/index.rs`, `src/buck.rs` — targets from BUCK files or from
  `buck2 targets --json`, and which targets list a file.
- `src/piece.rs`, `src/lines.rs`, `src/big.rs` — the piece table, its lines,
  and cursor editing over it.
- `src/recent.rs`, `src/dirs.rs`, `src/lang.rs` — the recent-workspaces file,
  per-user directories, and a file's language.
- `src/tabs.rs`, `src/outline.rs`, `src/menu.rs`, `src/workbench.rs` — the
  editor's decisions: open tabs, focus and unsaved edits; targets grouped by
  package and the visible rows of the file tree; what each right-click menu
  offers; what its prompts accept, when a build may start, folded packages.
- `src/graph.rs` — the build graph: target and outside-dependency nodes,
  their edges, and the column and row each node stands in.
- `src/paths.rs` — paths compared by their components.
- `src/strings.rs`, `src/utf8_text.rs` — text helpers and UTF-8 facts.
- `app/` — the command-line programs: file and process I/O, TOML reading,
  and argument parsing.
- `tests/` — tests run against the compiled library.

The graphical editor itself (its iced window, widgets, drawing, pixel
scrolling, and the placement of graph nodes in pixels, which works in
floating point) is not part of this crate: `src/` holds the decisions it
makes, and there is no GUI front end here that calls them.
