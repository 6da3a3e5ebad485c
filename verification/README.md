# dot-viewer

A terminal debugger for graphs in the dot format. The library (`src/`) is written in
Verus and checked by it: its functions state their results in contracts that are proved,
and the few calls into other crates (the command-line parser, the prefix tree, the fuzzy
matcher, the regular expressions, the dot reader) go through small wrappers whose contracts
are taken on trust. The program around it (`app/`) holds what cannot be verified: the
terminal, the files, the drawing and the graph library that reads dot files.

## Layout

- `src/graph/` — graphs of named nodes: adjacency maps, the depth-bounded searches around a
  node, the center graph and its console text, the neighbour listing, and reading dot text.
- `src/viewer/` — the viewer: its state and what each key does to it, key bindings, views of a graph (selection, neighbours, fuzzy,
  regex and prefix search, derived views), commands, tabs, lists, tables, the input line, the
  subgraph tree, errors and the help table.
- `src/app/` — the navigator's modes, errors, tabs and name completion.
- `src/repl/` — the line-oriented front end: command words, the open context, `show`/`goto`.
- `src/chars.rs`, `src/words.rs`, `src/text.rs` — text: UTF-8 byte positions, whitespace
  splitting, decimal numbers and centered fields.
- `tests/` — tests on concrete values.
- `app/` — the terminal program.
