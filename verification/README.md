# cship layout library

Statusline layout for cship, verified with Verus.

- `src/text.rs` — characters of strings, comparisons with literals, and the
  trusted calls into std (`char::is_whitespace`, `str::to_lowercase`,
  `String::push`) and `unicode-width`.
- `src/ansi.rs` — Starship-style style strings (`bold fg:#c3e88d bg:220`),
  painting through `nu-ansi-term`, ANSI stripping, display width, and the
  choice among base/warn/critical styles.
- `src/renderer.rs` — tokenizing format lines (`$cship.*`, `$name`,
  `[text](style)`, `$fill`), laying out fills, and rendering whole
  statuslines from the outputs of the modules.
- `src/terminal.rs` — the statusline width and the walk up the process tree
  that finds a terminal, as a state machine.
- `src/config.rs` — the configuration fields that layout reads.
- `app/lib.rs` — terminal and process queries, `$COLUMNS`, floating-point
  thresholds, and the driver that asks the module renderers for output.
