# zelkova

The logic of the Zelkova notes application as a verified library: a rope
text buffer with undo and redo, a Markdown parser, the editor's state
machine (text, cursor, selection, input-method composition, title and tag
zones), line highlighting, panes and tabs, the command palette and the
commands it plans, the sidebar's folder tree, note files' header framing,
and the application settings with their defaults.

- `src/` — the library. Every function states its result in `requires` /
  `ensures` over sequence models and is proved by Verus. `rope_spec.rs`,
  `text.rs` and `utf8len.rs` hold the models and the lemmas and laws about
  them; the laws of the other modules stand beside the functions they
  relate (`law_*` proof functions).
- `tests/` — the test suite, run against the compiled library.
- `app/` — what the library leaves out: reading the TOML settings files and
  the vault's folder structure, line wrapping by pixel widths, line
  heights in pixels, and request numbering.
