# tfil

A PTY proxy for filtering terminal sequences and enhancing interactive TUIs, as a library of verified Rust with a thin program around it.

`src/` is the library. Every function in it has a contract that [Verus](https://github.com/verus-lang/verus) proves:

- `bytes` — bytes of the terminal protocol, searching, decimal numbers.
- `filters` — the `Filter` trait and the output filters. `model` says what a byte filter is; `chain` runs filters in order; `csi`, `sgr`, `osc` and `printable` give the shape of the sequences that the filters look for; `dropping` drops control sequences of one kind; `cursor_shape`, `osc_title`, `tmux_osc_passthrough` and `ink_fake_cursor` are the filters.
- `codex_mouse_ui` — mouse handling for numbered menus: `menu` finds a menu on a screen, `report` reads and writes mouse reports, `steering` decides what an event does, `screen` holds the screen model.
- `terminal_output` — child output and the controls that are written between its sequences.
- `session` — what the coordinator, the readers and the terminal writer decide.
- `cli`, `wrapper` — options and wrapper scripts.

What holds of a part as a whole, such as that chunks may be cut anywhere, is stated by public proof functions beside the part or in a module `laws`.

Calls into other crates (`memchr`, `unicode-segmentation`, `vt100`, `vtparse`) go through declarations whose contracts are believed, not proved; each says above it which function it stands for and what it claims.

`app/` is the program: arguments, the PTY, threads and channels, files. `tests/` runs the library.
