# beads explorer

`be` is a terminal explorer for [beads](https://github.com/gastownhall/beads)
issue graphs: a tree of the open issues (parent-child edges reversed so that
children sit under their parents), a task view per issue, fuzzy go-to by ID,
and `bd` actions (edit, close, set status or priority, add a child issue).

The logic is a library verified with Verus; the program around it only talks
to the terminal, to `bd` and to the editor.

## Layout

- `src/model.rs` — issues, dependencies, and the issue graph built from what
  `bd list` returns: which issues form the tree, the tree edges, the roots,
  placeholders for missing dependency targets, and the optimistic close.
- `src/tree.rs` — the rows of the tree for a set of expanded paths.
- `src/app.rs` — the explorer's state and how each key changes it, stated as
  a step function over an abstract view of the state; refreshing after a
  reload; the invariant every state keeps.
- `src/session.rs` — what the main loop does with each action, and what the
  outcome of each `bd` or editor run does to the state.
- `src/ui.rs` — what the screen shows: display-width truncation and wrapping,
  table columns, colors, task-view lines, modal layout, footers.
- `src/bd.rs`, `src/cli.rs` — the `bd` command lines and the reading of their
  output; the command line of `be`.
- `src/text.rs`, `src/keys.rs` — character-level text handling; key events.
- `src/laws.rs` — properties across calls: dismissed prompts leave no trace,
  go-to shows only what the tree shows, a refresh keeps nothing the new graph
  lacks.
- `app/` — the `be` program: crossterm drawing and input, running `bd`,
  decoding its JSON, the editor, the event loop.
- `tests/` — scenario tests of the library.
