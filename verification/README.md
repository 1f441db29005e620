# tmux-tabs

A vertical window sidebar for tmux: every window in a narrow left pane,
grouped by project or by persistent custom sections, with agent-ready
highlights, live titles, cached PR status and optional generated
descriptions.

The logic is a Verus library (`src/`), each function proved against its
contract; the terminal front end, process spawning and file I/O live in
`app/`.

## Layout

- `src/text.rs`, `src/json.rs` — character-level helpers and the small JSON
  reader/escaper the rest uses.
- `src/sections.rs` — persistent custom sections, their JSON form and the
  laws of every section operation; `src/roundtrip.rs` proves that a written
  layout reads back whenever its names and ids hold no carriage return, its
  ids no `]`, and no id reading as a `"name"` key is followed in its section
  by an id with a `:` or one reading as a `"windows"` key.
- `src/model.rs` — windows, path normalisation, project groups, grouping and
  sidebar order, display names; `src/grouping.rs` proves that the sidebar
  shows every window once, in case-insensitive group order with `Other` last
  and `herdr` first.
- `src/layout.rs` — windows and menu state to addressable visual lines.
- `src/app.rs` — the event reducer and its laws (scroll stays in view, the
  wheel moves three lines, right-click toggles the menu, only `q` quits).
- `src/tmux.rs`, `src/control.rs`, `src/agent.rs` — the `Tmux` trait, window
  and pane gathering from tmux replies, sidebar placement, and the agent
  commands (list, find, capture, send, section edits).
- `src/descriptions.rs`, `src/theme.rs`, `src/runtime.rs` — description
  cache records and prompts, tmux style parsing, cell padding;
  `src/records.rs` proves that a description record reads back.
- `app/` — `main`, the real tmux runner, cache file reading, the description
  refresher and the ratatui render loop.
- `tests/` — scenario tests and concrete instances of the laws.
