# bala

A command-line task tracker: tasks nest under any number of parents, carry
start/due dates, an assignee and a type, can be soft-deleted and restored,
and complete with or without their subtasks. Data lives in a local SQLite
file; an interactive terminal view lists the task tree.

## Layout

- `src/` — the library, verified with Verus. Every public function states
  in its contract what it returns and how it changes the store.
  - `ids`, `model`, `error`, `text`, `codec`: identifiers, domain types,
    error messages, text helpers, stored encodings.
  - `store`: `InMemoryStore`, the task/user/type tables and the ordered
    parent edges, with its invariant (no edge twice).
  - `hierarchy`, `rollup`, `facade`: cycle checks, progress rollup, and
    `Core`, the operations on tasks (create, update, reparent, complete,
    delete, restore, reopen).
  - `cli`: the subcommands as functions from arguments and store to the
    lines they print.
  - `render`, `keymap`, `mode`, `tui_app`, `screen_text`, `config`: the
    terminal view's rows, key bindings, modes, state machine, line texts
    and saved view state.
  - `laws`: proof functions stating properties that span several
    operations.
- `tests/` — tests run against the compiled library.
- `app/` — the `bala` binary: argument parsing (clap), the SQLite file
  (rusqlite), directories, `view.toml` (serde, toml) and the terminal
  (crossterm, ratatui). It loads the store, calls the library, and writes
  the store back.
